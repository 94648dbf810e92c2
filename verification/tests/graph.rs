use eventchains::graph::{
    DijkstraState, Edge, Graph, NodeId, QueueNode, ShortestPathResult, INFINITE,
};
use eventchains::queue::PriorityQueue;
use eventchains::random_graph::{ordered, SimpleRng};
use eventchains::search::{fits, relax_neighbors, relax_outgoing, run_to_exhaustion, stale};

fn arcs(graph: &Graph, node: usize) -> Vec<(usize, u32)> {
    graph.edges(NodeId(node)).iter().map(|e: &Edge| (e.to.0, e.weight)).collect()
}

#[test]
fn new_graph_has_nodes_without_arcs() {
    let graph = Graph::new(3);
    assert_eq!(graph.nodes(), 3);
    for node in 0..3 {
        assert!(arcs(&graph, node).is_empty());
    }
    assert_eq!(Graph::new(0).nodes(), 0);
}

#[test]
fn add_edge_appends_one_arc() {
    let mut graph = Graph::new(3);
    graph.add_edge(NodeId(0), NodeId(1), 7);
    graph.add_edge(NodeId(0), NodeId(2), 9);
    assert_eq!(arcs(&graph, 0), vec![(1, 7), (2, 9)]);
    assert!(arcs(&graph, 1).is_empty());
    assert!(arcs(&graph, 2).is_empty());
}

#[test]
fn add_bidirectional_edge_appends_both_arcs() {
    let mut graph = Graph::new(2);
    graph.add_bidirectional_edge(NodeId(0), NodeId(1), 5);
    assert_eq!(arcs(&graph, 0), vec![(1, 5)]);
    assert_eq!(arcs(&graph, 1), vec![(0, 5)]);
}

#[test]
fn initial_state_has_source_at_zero() {
    let state = DijkstraState::new(3, NodeId(1));
    assert_eq!(state.distances, vec![INFINITE, 0, INFINITE]);
    assert_eq!(state.predecessors, vec![None, None, None]);
    assert_eq!(state.visited, vec![false, false, false]);
    assert_eq!(INFINITE, u32::MAX);
}

#[test]
fn queue_pops_by_distance_then_node() {
    let mut queue = PriorityQueue::new();
    assert!(queue.is_empty());
    queue.push(QueueNode { node: NodeId(3), distance: 5 });
    queue.push(QueueNode { node: NodeId(1), distance: 5 });
    queue.push(QueueNode { node: NodeId(9), distance: 2 });
    queue.push(QueueNode { node: NodeId(2), distance: 7 });
    assert_eq!(queue.len(), 4);
    assert_eq!(queue.pop(), Some(QueueNode { node: NodeId(9), distance: 2 }));
    assert_eq!(queue.pop(), Some(QueueNode { node: NodeId(1), distance: 5 }));
    assert_eq!(queue.pop(), Some(QueueNode { node: NodeId(3), distance: 5 }));
    assert_eq!(queue.pop(), Some(QueueNode { node: NodeId(2), distance: 7 }));
    assert_eq!(queue.pop(), None);
    assert!(queue.is_empty());
}

#[test]
fn queue_keeps_equal_entries() {
    let mut queue = PriorityQueue::new();
    queue.push(QueueNode { node: NodeId(1), distance: 5 });
    queue.push(QueueNode { node: NodeId(1), distance: 5 });
    assert_eq!(queue.len(), 2);
    assert_eq!(queue.pop(), Some(QueueNode { node: NodeId(1), distance: 5 }));
    assert_eq!(queue.pop(), Some(QueueNode { node: NodeId(1), distance: 5 }));
    assert_eq!(queue.pop(), None);
}

#[test]
fn entries_compare_by_distance_then_node() {
    let near = QueueNode { node: NodeId(9), distance: 1 };
    let far = QueueNode { node: NodeId(0), distance: 2 };
    assert!(near.pops_before(&far));
    assert!(!far.pops_before(&near));
    let low = QueueNode { node: NodeId(1), distance: 2 };
    let high = QueueNode { node: NodeId(2), distance: 2 };
    assert!(low.pops_before(&high));
    assert!(!high.pops_before(&low));
    assert!(low.pops_before(&low));
}

#[test]
fn relaxation_saturates_at_infinite() {
    let mut graph = Graph::new(2);
    graph.add_edge(NodeId(0), NodeId(1), u32::MAX);
    let mut state = DijkstraState::new(2, NodeId(0));
    state.distances[0] = 5;
    let mut queue = PriorityQueue::new();
    relax_neighbors(&graph, &mut state, &mut queue, NodeId(0), 5);
    assert!(state.visited[0]);
    assert_eq!(state.distances[1], INFINITE);
    assert_eq!(state.predecessors[1], None);
    assert!(queue.is_empty());
}

#[test]
fn relaxation_updates_only_strictly_shorter() {
    let mut graph = Graph::new(3);
    graph.add_edge(NodeId(0), NodeId(1), 4);
    graph.add_edge(NodeId(0), NodeId(2), 6);
    let mut state = DijkstraState::new(3, NodeId(0));
    state.distances[1] = 4;
    state.distances[2] = 7;
    let mut queue = PriorityQueue::new();
    relax_outgoing(&graph, &mut state, &mut queue, NodeId(0), 0);
    assert_eq!(state.distances, vec![0, 4, 6]);
    assert_eq!(state.predecessors, vec![None, None, Some(NodeId(0))]);
    assert_eq!(queue.len(), 1);
    assert_eq!(queue.pop(), Some(QueueNode { node: NodeId(2), distance: 6 }));
}

#[test]
fn stale_entries_change_nothing() {
    let mut graph = Graph::new(2);
    graph.add_edge(NodeId(0), NodeId(1), 1);
    let mut state = DijkstraState::new(2, NodeId(0));
    let mut queue = PriorityQueue::new();
    assert!(stale(&state, 2, NodeId(0), 3));
    assert!(stale(&state, 2, NodeId(5), 0));
    assert!(!stale(&state, 2, NodeId(0), 0));
    relax_neighbors(&graph, &mut state, &mut queue, NodeId(0), 3);
    assert_eq!(state.visited, vec![false, false]);
    assert_eq!(state.distances, vec![0, INFINITE]);
    state.visited[0] = true;
    assert!(stale(&state, 2, NodeId(0), 0));
    relax_neighbors(&graph, &mut state, &mut queue, NodeId(0), 0);
    assert_eq!(state.distances, vec![0, INFINITE]);
    assert!(queue.is_empty());
}

#[test]
fn exhaustion_empties_the_queue() {
    let mut graph = Graph::new(3);
    graph.add_edge(NodeId(0), NodeId(1), 2);
    graph.add_edge(NodeId(1), NodeId(2), 3);
    let mut state = DijkstraState::new(3, NodeId(0));
    assert!(fits(&state, 3));
    assert!(!fits(&state, 4));
    let mut queue = PriorityQueue::new();
    queue.push(QueueNode { node: NodeId(0), distance: 0 });
    run_to_exhaustion(&graph, &mut state, &mut queue);
    assert!(queue.is_empty());
    assert_eq!(state.distances, vec![0, 2, 5]);
    assert_eq!(state.predecessors, vec![None, Some(NodeId(0)), Some(NodeId(1))]);
    assert_eq!(state.visited, vec![true, true, true]);
}

#[test]
fn path_follows_predecessors_back_to_source() {
    let state = DijkstraState {
        distances: vec![0, 3, 1, 4],
        predecessors: vec![None, Some(NodeId(2)), Some(NodeId(0)), Some(NodeId(1))],
        visited: vec![true, true, true, true],
    };
    let result = ShortestPathResult::reconstruct_path(&state, &NodeId(0), &NodeId(3));
    assert_eq!(result.distance, Some(4));
    assert_eq!(result.path, vec![NodeId(0), NodeId(2), NodeId(1), NodeId(3)]);
}

#[test]
fn path_to_the_source_is_the_source() {
    let state = DijkstraState::new(2, NodeId(0));
    let result = ShortestPathResult::reconstruct_path(&state, &NodeId(0), &NodeId(0));
    assert_eq!(result.distance, Some(0));
    assert_eq!(result.path, vec![NodeId(0)]);
}

#[test]
fn no_distance_means_empty_path() {
    let state = DijkstraState::new(2, NodeId(0));
    let result = ShortestPathResult::reconstruct_path(&state, &NodeId(0), &NodeId(1));
    assert_eq!(result.distance, None);
    assert!(result.path.is_empty());
    let outside = ShortestPathResult::reconstruct_path(&state, &NodeId(0), &NodeId(7));
    assert_eq!(outside.distance, None);
    assert!(outside.path.is_empty());
}

#[test]
fn walk_over_a_cycle_of_predecessors_ends() {
    let state = DijkstraState {
        distances: vec![0, 1, 1],
        predecessors: vec![None, Some(NodeId(2)), Some(NodeId(1))],
        visited: vec![true, true, true],
    };
    let result = ShortestPathResult::reconstruct_path(&state, &NodeId(0), &NodeId(1));
    assert_eq!(result.distance, Some(1));
    assert_eq!(result.path, vec![NodeId(0), NodeId(1), NodeId(2), NodeId(1)]);
}

#[test]
fn generator_is_reproducible() {
    let mut rng = SimpleRng::new(12345);
    let first = rng.next_usize();
    let state = 12345u64
        .wrapping_mul(6364136223846793005)
        .wrapping_add(1442695040888963407);
    assert_eq!(rng.state, state);
    assert_eq!(first, (state >> 32) as usize);
    let mut again = SimpleRng::new(12345);
    assert_eq!(again.next_usize(), first);
    assert_eq!(again.next_usize(), rng.next_usize());
}

#[test]
fn pairs_are_ordered() {
    assert_eq!(ordered(3, 1), (1, 3));
    assert_eq!(ordered(1, 3), (1, 3));
    assert_eq!(ordered(2, 2), (2, 2));
}

#[test]
fn random_graph_is_connected_and_mirrored() {
    let graph = Graph::random_connected(50, 120, 100);
    assert_eq!(graph.nodes(), 50);
    let mut undirected = 0;
    for node in 0..50 {
        for (to, weight) in arcs(&graph, node) {
            assert!(weight >= 1 && weight <= 100);
            assert_ne!(to, node);
            assert!(arcs(&graph, to).contains(&(node, weight)));
            undirected += 1;
        }
    }
    assert_eq!(undirected, 2 * 120);
    let mut state = DijkstraState::new(50, NodeId(0));
    let mut queue = PriorityQueue::new();
    queue.push(QueueNode { node: NodeId(0), distance: 0 });
    run_to_exhaustion(&graph, &mut state, &mut queue);
    assert!(state.visited.iter().all(|v| *v));
}

#[test]
fn random_graph_is_the_same_each_time() {
    let one = Graph::random_connected(20, 40, 9);
    let two = Graph::random_connected(20, 40, 9);
    for node in 0..20 {
        assert_eq!(arcs(&one, node), arcs(&two, node));
    }
}

#[test]
fn random_graph_has_no_edge_twice() {
    let graph = Graph::random_connected(10, 45, 5);
    for node in 0..10 {
        let mut targets: Vec<usize> = arcs(&graph, node).iter().map(|a| a.0).collect();
        let before = targets.len();
        targets.sort();
        targets.dedup();
        assert_eq!(targets.len(), before);
    }
}
