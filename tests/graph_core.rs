use fighter_graph::centrality::{betweenness_centrality, closeness, Ratio};
use fighter_graph::command::{apply_command, parse_command, Applied, Command};
use fighter_graph::graph::{Attributes, Graph, GraphError, NodeData, NodeId};
use fighter_graph::floyd::all_pairs_distances;
use fighter_graph::paths::{distances_from, shortest_distance, shortest_path};

fn node(g: &mut Graph, label: &str) -> NodeId {
    g.add_node(NodeData::new(label, Attributes::unknown()))
}

/// Nodes A..E with unit-weight edges A-B, B-D, D-A, D-C, D-E, A-E, C-E.
fn five() -> (Graph, Vec<NodeId>) {
    let mut g = Graph::new();
    let ids: Vec<NodeId> = ["A", "B", "C", "D", "E"].iter().map(|l| node(&mut g, l)).collect();
    for (a, b) in [(0, 1), (1, 3), (3, 0), (3, 2), (3, 4), (0, 4), (2, 4)] {
        g.add_edge(ids[a], ids[b], 1).unwrap();
    }
    (g, ids)
}

fn label_pairs(g: &Graph) -> Vec<(String, String)> {
    g.edge_list()
        .iter()
        .map(|e| (g.get(e.a).unwrap().label.clone(), g.get(e.b).unwrap().label.clone()))
        .collect()
}

#[test]
fn five_node_scenario() {
    let (mut g, ids) = five();
    assert_eq!(shortest_distance(&g, ids[0], ids[4]), Some(1));
    assert!(g.remove_node(ids[0]));
    assert_eq!(g.node_count(), 4);
    let pairs = label_pairs(&g);
    let expected: Vec<(String, String)> = [("B", "D"), ("D", "C"), ("D", "E"), ("C", "E")]
        .iter()
        .map(|(a, b)| (a.to_string(), b.to_string()))
        .collect();
    assert_eq!(pairs, expected);
    assert_eq!(closeness(&g, ids[3]), Ratio { num: 1, den: 3 });
}

#[test]
fn duplicate_edge_is_kept() {
    let (mut g, ids) = five();
    let before = g.degree(ids[0]);
    let edges = g.edge_count();
    g.add_edge(ids[0], ids[1], 5).unwrap();
    assert_eq!(g.degree(ids[0]), before + 1);
    assert_eq!(g.edge_count(), edges + 1);
    let weights: Vec<u64> = g.neighbors(ids[0]).iter().filter(|(n, _)| *n == ids[1]).map(|(_, w)| *w).collect();
    assert_eq!(weights, vec![1, 5]);
}

#[test]
fn malformed_command_changes_nothing() {
    let (mut g, _) = five();
    let (nodes, edges) = (g.node_count(), g.edge_count());
    assert_eq!(apply_command(&mut g, "add edge X"), Err(GraphError::MalformedInput));
    assert_eq!((g.node_count(), g.edge_count()), (nodes, edges));
}

#[test]
fn distance_to_self_is_zero() {
    let (mut g, ids) = five();
    let lone = node(&mut g, "F");
    for id in ids.iter().chain([lone].iter()) {
        assert_eq!(shortest_distance(&g, *id, *id), Some(0));
    }
}

#[test]
fn removal_keeps_other_handles() {
    let (mut g, ids) = five();
    assert!(g.remove_node(ids[2]));
    assert!(!g.remove_node(ids[2]));
    assert!(!g.contains(ids[2]));
    for i in [0, 1, 3, 4] {
        assert_eq!(g.get(ids[i]).unwrap().label, ["A", "B", "C", "D", "E"][i]);
    }
    let fresh = node(&mut g, "C");
    assert_eq!(fresh.slot, 5);
    assert_eq!(g.node_ids(), vec![ids[0], ids[1], ids[3], ids[4], fresh]);
    assert_eq!(g.edge_count(), 5);
}

#[test]
fn all_pairs_agree_with_single_queries() {
    let (mut g, ids) = five();
    g.add_edge(ids[1], ids[2], 4).unwrap();
    node(&mut g, "F");
    let m = all_pairs_distances(&g);
    for s in 0..g.slot_count() {
        for t in 0..g.slot_count() {
            assert_eq!(m[s][t], shortest_distance(&g, NodeId { slot: s }, NodeId { slot: t }));
        }
    }
    assert_eq!(m[1][2], Some(2));
    assert_eq!(m[0][5], None);
}

#[test]
fn weights_decide_the_route() {
    let mut g = Graph::new();
    let a = node(&mut g, "A");
    let b = node(&mut g, "B");
    let c = node(&mut g, "C");
    g.add_edge(a, c, 10).unwrap();
    g.add_edge(a, b, 3).unwrap();
    g.add_edge(c, b, 4).unwrap();
    assert_eq!(shortest_distance(&g, a, c), Some(7));
    assert_eq!(shortest_path(&g, a, c), Some((7, vec![a, b, c])));
    assert_eq!(distances_from(&g, c), vec![Some(7), Some(4), Some(0)]);
}

#[test]
fn unreachable_and_absent_give_none() {
    let mut g = Graph::new();
    let a = node(&mut g, "A");
    let b = node(&mut g, "B");
    assert_eq!(shortest_distance(&g, a, b), None);
    assert_eq!(shortest_path(&g, a, b), None);
    assert_eq!(shortest_distance(&g, a, NodeId { slot: 9 }), None);
    g.remove_node(b);
    assert_eq!(shortest_distance(&g, b, b), None);
}

#[test]
fn shortest_path_in_scenario() {
    let (g, ids) = five();
    let (d, path) = shortest_path(&g, ids[1], ids[2]).unwrap();
    assert_eq!(d, 2);
    assert_eq!(path.len(), 3);
    assert_eq!(path[0], ids[1]);
    assert_eq!(path[2], ids[2]);
    assert_eq!(shortest_path(&g, ids[1], ids[1]), Some((0, vec![ids[1]])));
}

#[test]
fn betweenness_of_a_path() {
    let mut g = Graph::new();
    let a = node(&mut g, "A");
    let b = node(&mut g, "B");
    let c = node(&mut g, "C");
    g.add_edge(a, b, 1).unwrap();
    g.add_edge(b, c, 1).unwrap();
    let r = betweenness_centrality(&g);
    assert_eq!(r, vec![Ratio { num: 0, den: 2 }, Ratio { num: 1, den: 2 }, Ratio { num: 0, den: 2 }]);
}

#[test]
fn betweenness_small_graphs_are_zero() {
    let mut g = Graph::new();
    assert_eq!(betweenness_centrality(&g), vec![]);
    let a = node(&mut g, "A");
    let b = node(&mut g, "B");
    g.add_edge(a, b, 1).unwrap();
    assert_eq!(betweenness_centrality(&g), vec![Ratio { num: 0, den: 1 }, Ratio { num: 0, den: 1 }]);
}

#[test]
fn betweenness_in_scenario() {
    let (g, _) = five();
    let r = betweenness_centrality(&g);
    let nums: Vec<u128> = r.iter().map(|x| x.num).collect();
    assert_eq!(nums, vec![1, 0, 0, 3, 1]);
    assert!(r.iter().all(|x| x.den == 12));
}

#[test]
fn closeness_values() {
    let (mut g, ids) = five();
    let lone = node(&mut g, "F");
    assert_eq!(closeness(&g, lone), Ratio { num: 0, den: 1 });
    assert_eq!(closeness(&g, ids[3]), Ratio { num: 1, den: 4 });
    g.add_edge(lone, lone, 1).unwrap();
    assert_eq!(closeness(&g, lone), Ratio { num: 1, den: 1 });
}

#[test]
fn unknown_node_is_refused() {
    let (mut g, ids) = five();
    g.remove_node(ids[4]);
    let edges = g.edge_count();
    assert_eq!(g.add_edge(ids[0], ids[4], 1), Err(GraphError::UnknownNode));
    assert_eq!(g.add_edge(ids[0], NodeId { slot: 42 }, 1), Err(GraphError::UnknownNode));
    assert_eq!(g.edge_count(), edges);
    assert_eq!(apply_command(&mut g, "add edge A:Nobody"), Err(GraphError::UnknownNode));
    assert_eq!(g.edge_count(), edges);
}

#[test]
fn remove_edge_takes_the_first_match() {
    let (mut g, ids) = five();
    g.add_edge(ids[1], ids[0], 9).unwrap();
    assert!(g.remove_edge(ids[1], ids[0]));
    let weights: Vec<u64> = g.neighbors(ids[0]).iter().filter(|(n, _)| *n == ids[1]).map(|(_, w)| *w).collect();
    assert_eq!(weights, vec![9]);
    assert!(g.remove_edge(ids[0], ids[1]));
    assert!(!g.remove_edge(ids[0], ids[1]));
}

#[test]
fn labels_resolve_to_the_first_node() {
    let (mut g, ids) = five();
    let second_a = node(&mut g, "A");
    assert_eq!(g.find_by_label("A"), Some(ids[0]));
    g.remove_node(ids[0]);
    assert_eq!(g.find_by_label("A"), Some(second_a));
    assert_eq!(g.find_by_label("Z"), None);
}

#[test]
fn commands_parse() {
    match parse_command("add node Max Holloway") {
        Ok(Command::AddNode { label }) => assert_eq!(label, "Max Holloway"),
        other => panic!("unexpected {:?}", other),
    }
    match parse_command("add edge Dustin Poirier:Conor McGregor") {
        Ok(Command::AddEdge { a, b, weight }) => {
            assert_eq!((a.as_str(), b.as_str(), weight), ("Dustin Poirier", "Conor McGregor", 1))
        }
        other => panic!("unexpected {:?}", other),
    }
    match parse_command("add edge A:B:17") {
        Ok(Command::AddEdge { weight, .. }) => assert_eq!(weight, 17),
        other => panic!("unexpected {:?}", other),
    }
    for bad in ["add node ", "add edge :B", "add edge A:", "add edge A:B:", "add edge A:B:1x", "add edge A:B:C:D",
        "add edge A:B:99999999999999999999", "remove node A", ""]
    {
        assert!(matches!(parse_command(bad), Err(GraphError::MalformedInput)), "{}", bad);
    }
}

#[test]
fn commands_apply() {
    let (mut g, ids) = five();
    assert_eq!(apply_command(&mut g, "add node B"), Ok(Applied::NodeExists(ids[1])));
    assert_eq!(g.node_count(), 5);
    assert_eq!(apply_command(&mut g, "add node Max Holloway"), Ok(Applied::NodeAdded(NodeId { slot: 5 })));
    assert_eq!(apply_command(&mut g, "add edge Max Holloway:D:3"), Ok(Applied::EdgeAdded));
    assert_eq!(shortest_distance(&g, NodeId { slot: 5 }, ids[0]), Some(4));
}
