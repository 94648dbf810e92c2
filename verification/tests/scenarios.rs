use eventchains::dijkstra_eventchains::{dijkstra_eventchains_bare, dijkstra_eventchains_optimized};
use eventchains::graph::{Graph, NodeId};
use std::sync::Arc;

fn sample(nodes: usize) -> Graph {
    let mut graph = Graph::new(nodes);
    graph.add_edge(NodeId(0), NodeId(1), 4);
    graph.add_edge(NodeId(0), NodeId(2), 1);
    graph.add_edge(NodeId(2), NodeId(1), 2);
    graph.add_edge(NodeId(1), NodeId(3), 1);
    graph.add_edge(NodeId(2), NodeId(3), 5);
    graph
}

#[test]
fn four_node_graph_gives_distance_four() {
    let result = dijkstra_eventchains_optimized(Arc::new(sample(4)), NodeId(0), NodeId(3));
    assert_eq!(result.distance, Some(4));
    assert_eq!(result.path, vec![NodeId(0), NodeId(2), NodeId(1), NodeId(3)]);
    assert_eq!(result.source, NodeId(0));
    assert_eq!(result.target, NodeId(3));
}

#[test]
fn four_node_graph_fine_grained_gives_distance_four() {
    let result = dijkstra_eventchains_bare(Arc::new(sample(4)), NodeId(0), NodeId(3));
    assert_eq!(result.distance, Some(4));
    assert_eq!(result.path, vec![NodeId(0), NodeId(2), NodeId(1), NodeId(3)]);
}

#[test]
fn disconnected_target_has_no_distance() {
    let result = dijkstra_eventchains_optimized(Arc::new(sample(5)), NodeId(0), NodeId(4));
    assert_eq!(result.distance, None);
    assert!(result.path.is_empty());
}
