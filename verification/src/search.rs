use vstd::prelude::*;
use crate::graph::{DijkstraState, Edge, Graph, NodeId, QueueNode, StateView, INFINITE};
use crate::queue::{queue_push, PriorityQueue};

verus! {

/// The algorithm between two pops: the state and the entries still queued.
pub struct Search {
    pub state: StateView,
    pub queue: Seq<QueueNode>,
}

/// The three sequences of `state` have one entry per node of a graph of `nodes` nodes.
pub open spec fn state_fits(state: StateView, nodes: nat) -> bool {
    &&& state.distances.len() == nodes
    &&& state.predecessors.len() == nodes
    &&& state.visited.len() == nodes
}

/// `distance + weight`, held at `INFINITE` where the sum would pass it.
pub open spec fn extend(distance: u32, weight: u32) -> u32 {
    if distance + weight > INFINITE {
        INFINITE
    } else {
        (distance + weight) as u32
    }
}

/// The entry `e` has nothing to say any more: its node is outside the state,
/// already visited, or known at a shorter distance.
pub open spec fn is_stale(state: StateView, e: QueueNode) -> bool {
    ||| e.node.0 >= state.visited.len()
    ||| state.visited[e.node.0 as int]
    ||| e.distance > state.distances[e.node.0 as int]
}

/// Relaxes one arc leaving `node`, itself at `distance`: where the way over `node`
/// is strictly shorter, the arc's end gets the new distance and `node` as
/// predecessor, and is queued again. An arc that leaves the graph is passed over.
pub open spec fn relax_arc(s: Search, node: NodeId, distance: u32, arc: Edge) -> Search {
    let reached = extend(distance, arc.weight);
    if arc.to.0 < s.state.distances.len() && reached < s.state.distances[arc.to.0 as int] {
        Search {
            state: StateView {
                distances: s.state.distances.update(arc.to.0 as int, reached),
                predecessors: s.state.predecessors.update(arc.to.0 as int, Some(node)),
                visited: s.state.visited,
            },
            queue: queue_push(s.queue, QueueNode { node: arc.to, distance: reached }),
        }
    } else {
        s
    }
}

/// Relaxes `arcs` in order.
pub open spec fn relax_arcs(s: Search, node: NodeId, distance: u32, arcs: Seq<Edge>) -> Search
    decreases arcs.len(),
{
    if arcs.len() == 0 {
        s
    } else {
        relax_arc(relax_arcs(s, node, distance, arcs.drop_last()), node, distance, arcs.last())
    }
}

/// `state` with `node` marked as visited.
pub open spec fn mark_visited(state: StateView, node: NodeId) -> StateView {
    StateView {
        distances: state.distances,
        predecessors: state.predecessors,
        visited: state.visited.update(node.0 as int, true),
    }
}

/// Processes the popped entry `e`: nothing if it is stale, else its node is marked
/// visited and every arc leaving it is relaxed.
pub open spec fn visit(adj: Seq<Seq<Edge>>, s: Search, e: QueueNode) -> Search {
    if is_stale(s.state, e) || e.node.0 >= adj.len() {
        s
    } else {
        relax_arcs(
            Search { state: mark_visited(s.state, e.node), queue: s.queue },
            e.node,
            e.distance,
            adj[e.node.0 as int],
        )
    }
}

/// One pop: the entry that leaves first is taken off and processed. An empty queue
/// stays as it is.
pub open spec fn step(adj: Seq<Seq<Edge>>, s: Search) -> Search {
    if s.queue.len() == 0 {
        s
    } else {
        visit(adj, Search { state: s.state, queue: s.queue.drop_last() }, s.queue.last())
    }
}

/// `count` pops in a row.
pub open spec fn steps(adj: Seq<Seq<Edge>>, s: Search, count: nat) -> Search
    decreases count,
{
    if count == 0 {
        s
    } else {
        step(adj, steps(adj, s, (count - 1) as nat))
    }
}

/// How many nodes are not yet visited.
pub open spec fn unvisited(visited: Seq<bool>) -> nat
    decreases visited.len(),
{
    if visited.len() == 0 {
        0
    } else {
        unvisited(visited.drop_last()) + if visited.last() { 0nat } else { 1nat }
    }
}

/// Marking an unvisited node lowers the count of unvisited nodes by one.
pub proof fn lemma_unvisited_drops(visited: Seq<bool>, i: int)
    requires
        0 <= i < visited.len(),
        !visited[i],
    ensures
        unvisited(visited.update(i, true)) + 1 == unvisited(visited),
    decreases visited.len(),
{
    let after = visited.update(i, true);
    if i == visited.len() - 1 {
        assert(after.drop_last() =~= visited.drop_last());
    } else {
        assert(after.drop_last() =~= visited.drop_last().update(i, true));
        lemma_unvisited_drops(visited.drop_last(), i);
    }
}

/// Relaxing arcs changes neither the visited marks nor the size of the state.
pub proof fn lemma_relax_keeps_marks(s: Search, node: NodeId, distance: u32, arcs: Seq<Edge>)
    ensures
        relax_arcs(s, node, distance, arcs).state.visited == s.state.visited,
        relax_arcs(s, node, distance, arcs).state.distances.len() == s.state.distances.len(),
    decreases arcs.len(),
{
    if arcs.len() > 0 {
        lemma_relax_keeps_marks(s, node, distance, arcs.drop_last());
    }
}

/// A pop keeps the state at the size of the graph.
pub proof fn lemma_step_fits(adj: Seq<Seq<Edge>>, s: Search)
    requires
        state_fits(s.state, adj.len()),
    ensures
        state_fits(step(adj, s).state, adj.len()),
{
    if s.queue.len() > 0 {
        let e = s.queue.last();
        if !(is_stale(s.state, e) || e.node.0 >= adj.len()) {
            let marked = Search { state: mark_visited(s.state, e.node), queue: s.queue.drop_last() };
            lemma_relax_fits(marked, e.node, e.distance, adj[e.node.0 as int], adj.len());
        }
    }
}

/// Relaxing arcs keeps the state at its size.
pub proof fn lemma_relax_fits(s: Search, node: NodeId, distance: u32, arcs: Seq<Edge>, nodes: nat)
    requires
        state_fits(s.state, nodes),
    ensures
        state_fits(relax_arcs(s, node, distance, arcs).state, nodes),
    decreases arcs.len(),
{
    if arcs.len() > 0 {
        lemma_relax_fits(s, node, distance, arcs.drop_last(), nodes);
    }
}

/// A pop from a non-empty queue either visits a node or only shortens the queue.
pub proof fn lemma_step_progress(adj: Seq<Seq<Edge>>, s: Search)
    requires
        s.queue.len() > 0,
    ensures
        step(adj, s).state.visited.len() == s.state.visited.len(),
        unvisited(step(adj, s).state.visited) < unvisited(s.state.visited) || (step(
            adj,
            s,
        ).state == s.state && step(adj, s).queue == s.queue.drop_last()),
{
    let e = s.queue.last();
    let rest = Search { state: s.state, queue: s.queue.drop_last() };
    if !(is_stale(s.state, e) || e.node.0 >= adj.len()) {
        let marked = Search { state: mark_visited(s.state, e.node), queue: rest.queue };
        lemma_relax_keeps_marks(marked, e.node, e.distance, adj[e.node.0 as int]);
        lemma_unvisited_drops(s.state.visited, e.node.0 as int);
    }
}

/// Pops until the queue is empty.
pub open spec fn exhaust(adj: Seq<Seq<Edge>>, s: Search) -> Search
    decreases unvisited(s.state.visited), s.queue.len(),
{
    if s.queue.len() == 0 {
        s
    } else {
        proof {
            lemma_step_progress(adj, s);
        }
        exhaust(adj, step(adj, s))
    }
}

/// Whether `state` has one entry per node of a graph of `nodes` nodes.
pub fn fits(state: &DijkstraState, nodes: usize) -> (r: bool)
    ensures
        r == state_fits(state@, nodes as nat),
{
    state.distances.len() == nodes && state.predecessors.len() == nodes && state.visited.len()
        == nodes
}

/// Whether the entry `(node, distance)` is stale in `state`, or its node no node of
/// a graph of `nodes` nodes.
pub fn stale(state: &DijkstraState, nodes: usize, node: NodeId, distance: u32) -> (r: bool)
    requires
        state_fits(state@, nodes as nat),
    ensures
        r == (is_stale(state@, QueueNode { node, distance }) || node.0 >= nodes),
{
    node.0 >= nodes || state.visited[node.0] || distance > state.distances[node.0]
}

/// Relaxes the arcs leaving `node`, itself at `distance`, in the order in which
/// they were added, with saturating addition; each improved neighbour is queued.
pub fn relax_outgoing(
    graph: &Graph,
    state: &mut DijkstraState,
    queue: &mut PriorityQueue,
    node: NodeId,
    distance: u32,
)
    requires
        state_fits(old(state)@, graph@.len()),
        node.0 < graph@.len(),
    ensures
        state_fits(final(state)@, graph@.len()),
        (Search { state: final(state)@, queue: final(queue)@ }) == relax_arcs(
            Search { state: old(state)@, queue: old(queue)@ },
            node,
            distance,
            graph@[node.0 as int],
        ),
{
    let n = graph.nodes();
    let arcs = graph.edges(node);
    let ghost start = Search { state: state@, queue: queue@ };
    let mut i: usize = 0;
    while i < arcs.len()
        invariant
            i <= arcs.len(),
            n == graph@.len(),
            state_fits(state@, n as nat),
            (Search { state: state@, queue: queue@ }) == relax_arcs(
                start,
                node,
                distance,
                arcs@.take(i as int),
            ),
        decreases arcs.len() - i,
    {
        let arc = arcs[i];
        let reached = distance.saturating_add(arc.weight);
        proof {
            assert(arcs@.take(i + 1).drop_last() =~= arcs@.take(i as int));
            assert(arcs@.take(i + 1).last() == arc);
        }
        if arc.to.0 < n && reached < state.distances[arc.to.0] {
            state.distances[arc.to.0] = reached;
            state.predecessors[arc.to.0] = Some(node);
            queue.push(QueueNode { node: arc.to, distance: reached });
        }
        i = i + 1;
    }
    proof {
        assert(arcs@.take(arcs@.len() as int) =~= arcs@);
    }
}

/// Processes the entry `(node, distance)` against `state` and `queue`: a stale entry
/// changes nothing; otherwise the node is marked visited and its arcs are relaxed.
pub fn relax_neighbors(
    graph: &Graph,
    state: &mut DijkstraState,
    queue: &mut PriorityQueue,
    node: NodeId,
    distance: u32,
)
    requires
        state_fits(old(state)@, graph@.len()),
    ensures
        state_fits(final(state)@, graph@.len()),
        (Search { state: final(state)@, queue: final(queue)@ }) == visit(
            graph@,
            Search { state: old(state)@, queue: old(queue)@ },
            QueueNode { node, distance },
        ),
{
    if stale(state, graph.nodes(), node, distance) {
        return ;
    }
    state.visited[node.0] = true;
    relax_outgoing(graph, state, queue, node, distance);
}

/// Pops and processes entries until the queue is empty.
pub fn run_to_exhaustion(graph: &Graph, state: &mut DijkstraState, queue: &mut PriorityQueue)
    requires
        state_fits(old(state)@, graph@.len()),
    ensures
        state_fits(final(state)@, graph@.len()),
        (Search { state: final(state)@, queue: final(queue)@ }) == exhaust(
            graph@,
            Search { state: old(state)@, queue: old(queue)@ },
        ),
        final(queue)@.len() == 0,
{
    let ghost begin = Search { state: state@, queue: queue@ };
    loop
        invariant
            state_fits(state@, graph@.len()),
            exhaust(graph@, begin) == exhaust(graph@, Search { state: state@, queue: queue@ }),
        ensures
            queue@.len() == 0,
        decreases unvisited(state@.visited), queue@.len(),
    {
        let ghost here = Search { state: state@, queue: queue@ };
        match queue.pop() {
            None => {
                break ;
            },
            Some(e) => {
                proof {
                    lemma_step_progress(graph@, here);
                }
                relax_neighbors(graph, state, queue, e.node, e.distance);
                assert(Search { state: state@, queue: queue@ } == step(graph@, here));
            },
        }
    }
}

} // verus!
