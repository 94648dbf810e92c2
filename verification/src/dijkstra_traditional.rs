use vstd::prelude::*;
use std::sync::Arc;
use crate::graph::{
    initial_state, no_result, result_of, DijkstraState, Edge, Graph, NodeId, QueueNode, ResultView,
    ShortestPathResult,
};
use crate::invariants::{
    in_order, keeps_visited, lemma_exhaust_in_order, lemma_marked_is_relaxing,
    lemma_relax_arcs_in_order, lemma_start_in_order, lemma_step_in_order,
    lemma_visited_result_is_final,
};
use crate::pipeline::{exhaustive_result, start_of};
use crate::queue::PriorityQueue;
use crate::search::{
    exhaust, is_stale, lemma_relax_keeps_marks, lemma_step_progress, lemma_unvisited_drops,
    mark_visited, relax_outgoing, stale, state_fits, step, unvisited, Search,
};

verus! {

/// Pops until the queue is empty or the target is visited: the search stops with
/// the target marked, before the arcs leaving it are relaxed.
pub open spec fn until_visited(adj: Seq<Seq<Edge>>, s: Search, target: NodeId) -> Search
    decreases unvisited(s.state.visited), s.queue.len(),
{
    if s.queue.len() == 0 {
        s
    } else {
        let e = s.queue.last();
        let rest = Search { state: s.state, queue: s.queue.drop_last() };
        if is_stale(s.state, e) || e.node.0 >= adj.len() {
            until_visited(adj, rest, target)
        } else if e.node == target {
            Search { state: mark_visited(s.state, e.node), queue: rest.queue }
        } else {
            proof {
                lemma_step_progress(adj, s);
            }
            until_visited(adj, step(adj, s), target)
        }
    }
}

/// The result of the computation that stops at the target; nothing where the
/// source is no node of the graph.
pub open spec fn direct_result(adj: Seq<Seq<Edge>>, source: NodeId, target: NodeId) -> ResultView {
    if source.0 < adj.len() {
        result_of(
            until_visited(adj, start_of(adj.len(), source), target).state,
            source,
            target,
        )
    } else {
        no_result(source, target)
    }
}

/// How many nodes are visited.
pub open spec fn visited_count(visited: Seq<bool>) -> nat {
    (visited.len() - unvisited(visited)) as nat
}

/// No more nodes are unvisited than there are nodes.
pub proof fn lemma_unvisited_bound(visited: Seq<bool>)
    ensures
        unvisited(visited) <= visited.len(),
    decreases visited.len(),
{
    if visited.len() > 0 {
        lemma_unvisited_bound(visited.drop_last());
    }
}

/// In the initial state no node is visited.
pub proof fn lemma_none_visited(nodes: nat, source: NodeId)
    ensures
        unvisited(initial_state(nodes, source).visited) == nodes,
    decreases nodes,
{
    let visited = initial_state(nodes, source).visited;
    if nodes > 0 {
        lemma_none_visited((nodes - 1) as nat, source);
        assert(visited.drop_last() =~= initial_state(
            (nodes - 1) as nat,
            source,
        ).visited);
    }
}

/// The number of nodes that the computation which stops at the target has visited
/// when it ends; none where the source is no node of the graph.
pub open spec fn direct_visits(adj: Seq<Seq<Edge>>, source: NodeId, target: NodeId) -> nat {
    if source.0 < adj.len() {
        visited_count(until_visited(adj, start_of(adj.len(), source), target).state.visited)
    } else {
        0
    }
}

/// Traditional implementation of the shortest-path computation: one loop over the
/// priority queue, left as soon as the target is visited.
pub fn dijkstra_traditional(graph: Arc<Graph>, source: &NodeId, target: &NodeId) -> (r:
    ShortestPathResult)
    ensures
        r@ == direct_result(graph@, *source, *target),
{
    dijkstra_traditional_counted(graph, source, target).0
}

/// The traditional computation, together with the number of nodes it visited.
pub fn dijkstra_traditional_counted(graph: Arc<Graph>, source: &NodeId, target: &NodeId) -> (r: (
    ShortestPathResult,
    usize,
))
    ensures
        r.0@ == direct_result(graph@, *source, *target),
        r.1 == direct_visits(graph@, *source, *target),
{
    let source = *source;
    let target = *target;
    let nodes = graph.nodes();
    if source.0 >= nodes {
        return (ShortestPathResult { source, target, distance: None, path: Vec::new() }, 0);
    }
    let mut state = DijkstraState::new(nodes, source);
    let mut queue = PriorityQueue::new();
    queue.push(QueueNode { node: source, distance: 0 });
    let mut processed: usize = 0;
    let ghost begin = Search { state: state@, queue: queue@ };
    proof {
        lemma_none_visited(nodes as nat, source);
    }
    loop
        invariant_except_break
            until_visited(graph@, begin, target) == until_visited(
                graph@,
                Search { state: state@, queue: queue@ },
                target,
            ),
        invariant
            nodes == graph@.len(),
            state_fits(state@, graph@.len()),
            processed + unvisited(state@.visited) == nodes,
        ensures
            state@ == until_visited(graph@, begin, target).state,
        decreases unvisited(state@.visited), queue@.len(),
    {
        let ghost here = Search { state: state@, queue: queue@ };
        match queue.pop() {
            None => {
                break ;
            },
            Some(e) => {
                if !stale(&state, nodes, e.node, e.distance) {
                    proof {
                        lemma_step_progress(graph@, here);
                        lemma_unvisited_drops(state@.visited, e.node.0 as int);
                        lemma_relax_keeps_marks(
                            Search { state: mark_visited(state@, e.node), queue: queue@ },
                            e.node,
                            e.distance,
                            graph@[e.node.0 as int],
                        );
                    }
                    state.visited[e.node.0] = true;
                    processed = processed + 1;
                    if e.node == target {
                        break ;
                    }
                    relax_outgoing(&graph, &mut state, &mut queue, e.node, e.distance);
                }
            },
        }
    }
    proof {
        lemma_unvisited_bound(state@.visited);
    }
    (ShortestPathResult::reconstruct_path(&state, &source, &target), processed)
}

/// Stopping at the target loses nothing: for a search in order, the result for
/// the target is the one that popping to exhaustion gives.
pub proof fn lemma_stopping_at_target(
    adj: Seq<Seq<Edge>>,
    s: Search,
    source: NodeId,
    target: NodeId,
)
    requires
        in_order(adj, s),
    ensures
        result_of(until_visited(adj, s, target).state, source, target) == result_of(
            exhaust(adj, s).state,
            source,
            target,
        ),
    decreases unvisited(s.state.visited), s.queue.len(),
{
    if s.queue.len() > 0 {
        let e = s.queue.last();
        let rest = Search { state: s.state, queue: s.queue.drop_last() };
        lemma_step_progress(adj, s);
        lemma_step_in_order(adj, s);
        if is_stale(s.state, e) || e.node.0 >= adj.len() {
            assert(step(adj, s) == rest);
            lemma_stopping_at_target(adj, rest, source, target);
        } else if e.node == target {
            let marked = Search { state: mark_visited(s.state, e.node), queue: rest.queue };
            lemma_marked_is_relaxing(adj, s);
            lemma_relax_arcs_in_order(adj, marked, e.node, e.distance, adj[e.node.0 as int]);
            lemma_exhaust_in_order(adj, step(adj, s));
            let end = exhaust(adj, step(adj, s)).state;
            assert(keeps_visited(marked.state, end));
            lemma_visited_result_is_final(marked.state, end, source, target);
        } else {
            lemma_stopping_at_target(adj, step(adj, s), source, target);
        }
    }
}

/// Correctness against the direct computation: for every graph, source and target,
/// the chain that pops to exhaustion gives the distance and the path that the
/// computation gives which runs without a chain and stops at the target.
pub proof fn lemma_chain_agrees_with_direct(adj: Seq<Seq<Edge>>, source: NodeId, target: NodeId)
    ensures
        exhaustive_result(adj, source, target) == direct_result(adj, source, target),
{
    if source.0 < adj.len() {
        lemma_start_in_order(adj, source);
        lemma_stopping_at_target(adj, start_of(adj.len(), source), source, target);
    }
}

} // verus!
